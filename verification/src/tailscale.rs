//! Tailscale's status and Serve configuration, and what they allow.

use crate::bytes::{lossy, lossy_text, utf8, utf8_error};
use crate::ip::{names_loopback, spells_loopback};
use crate::list::all_distinct;
use crate::localapi::LocalApi;
use crate::number::{decimal, decimal_string, parse_decimal, port_number};
use crate::order::{
    in_order, is_order, lemma_sort_by_map, lemma_text_le_total, lemma_text_le_transitive, not_after,
    sort_by, sort_by_is_ordered, sort_vec, text_le,
};
use crate::text::{
    after_last, before_any, before_suffix, chars_of, find_any_char, find_sub, find_text,
    inside_brackets, keyed_texts, lemma_find_any_from, lemma_find_sub_from, rsplit_once,
    same_ignoring_case, same_letters, same_text, spells, split_last, string_of, strip_suffix,
    tail_after, texts, trim, trim_end, trim_end_char, trimmed, trimmed_end, within_brackets,
    without_trailing,
};
use vstd::prelude::*;
use vstd::slice::slice_subrange;
use vstd::utf8::{decode_utf8, valid_utf8};

verus! {

/// How long a run of `tailscale status` may take, in nanoseconds.
pub const STATUS_TIMEOUT: u64 = 5_000_000_000;

/// How long a run of `tailscale serve status` may take, in nanoseconds.
pub const SERVE_STATUS_TIMEOUT: u64 = 2_000_000_000;

// --------------------------------------------------------------------- node

/// This machine in the tailnet.
#[derive(Debug)]
pub struct TailnetNode {
    pub dns_name: String,
}

/// What Tailscale's status says of itself.
#[derive(Debug)]
pub struct StatusDocument {
    pub backend_state: String,
    pub self_status: Option<SelfStatus>,
}

/// What Tailscale's status says of this machine.
#[derive(Debug)]
pub struct SelfStatus {
    pub dns_name: String,
}

/// The name of this machine, or why it has none. `document` is the decoded
/// status, or what is wrong with it.
pub open spec fn node_name(document: Result<StatusDocument, String>) -> Result<
    Seq<char>,
    Seq<char>,
> {
    match document {
        Err(error) => Err("parse Tailscale status: "@ + error@),
        Ok(status) => if status.backend_state@ != "Running"@ {
            Err("Tailscale is not running (state: "@ + status.backend_state@ + ")"@)
        } else {
            match status.self_status {
                None => Err("this node has no Tailscale IP"@),
                Some(own) => if own.dns_name@.len() == 0 {
                    Err("Tailscale MagicDNS and HTTPS certificates are required"@)
                } else {
                    Ok(trim_end_char(own.dns_name@, '.'))
                },
            }
        },
    }
}

/// This machine's node, from the decoded status.
pub fn parse_node(document: Result<StatusDocument, String>) -> (r: Result<TailnetNode, String>)
    ensures
        match (r, node_name(document)) {
            (Ok(node), Ok(name)) => node.dns_name@ == name,
            (Err(error), Err(message)) => error@ == message,
            _ => false,
        },
{
    match document {
        Err(error) => {
            let mut message: String = "parse Tailscale status: ".to_owned();
            message.append(error.as_str());
            Err(message)
        },
        Ok(status) => {
            if !same_text(status.backend_state.as_str(), "Running") {
                let mut message: String = "Tailscale is not running (state: ".to_owned();
                message.append(status.backend_state.as_str());
                message.append(")");
                return Err(message);
            }
            match status.self_status {
                None => Err("this node has no Tailscale IP".to_owned()),
                Some(own) => {
                    let chars: Vec<char> = chars_of(own.dns_name.as_str());
                    if chars.len() == 0 {
                        return Err(
                            "Tailscale MagicDNS and HTTPS certificates are required".to_owned(),
                        );
                    }
                    Ok(
                        TailnetNode {
                            dns_name: string_of(without_trailing(chars.as_slice(), '.')),
                        },
                    )
                },
            }
        },
    }
}

// -------------------------------------------------------------------- config

/// A served path's handler.
#[derive(Debug)]
pub struct WebHandler {
    pub proxy: String,
}

/// The handlers of one host, by path, each path once.
#[derive(Debug)]
pub struct WebRoute {
    pub handlers: Vec<(String, WebHandler)>,
}

/// The keys of a list, in its order.
pub open spec fn keys_in<V>(list: Seq<(String, V)>) -> Seq<Seq<char>> {
    list.map_values(|entry: (String, V)| entry.0@)
}

/// What is served: TCP ports, hosts, foreground sessions, and what is open to
/// the internet. Every key occurs once.
#[derive(Debug)]
pub struct ServeConfig {
    pub tcp: Vec<String>,
    pub web: Vec<(String, WebRoute)>,
    pub foreground: Vec<(String, Option<ServeConfig>)>,
    pub allow_funnel: Vec<(String, bool)>,
    pub etag: Option<String>,
}

impl ServeConfig {
    /// Every key occurs once: each port, host, path, session and opened host, in
    /// the configuration and in those of its sessions.
    pub open spec fn keys_once(self) -> bool
        decreases self,
    {
        &&& all_distinct(texts(self.tcp@))
        &&& all_distinct(keys_in(self.web@))
        &&& forall|i: int|
            0 <= i < self.web@.len() ==> all_distinct(
                keys_in((#[trigger] self.web@[i]).1.handlers@),
            )
        &&& all_distinct(keys_in(self.foreground@))
        &&& forall|i: int|
            0 <= i < self.foreground@.len() ==> match (#[trigger] self.foreground@[i]).1 {
                Some(session) => session.keys_once(),
                None => true,
            }
        &&& all_distinct(keys_in(self.allow_funnel@))
    }
}

/// The document in the output of a Serve status; none where nothing is served,
/// which some versions report as null.
pub open spec fn document_in(output: Seq<char>) -> Option<Seq<char>> {
    if trim(output).len() == 0 || trim(output) == "null"@ {
        None
    } else {
        Some(trim(output))
    }
}

/// The document in the output of a Serve status, which is still to be decoded.
pub fn serve_document(output: &str) -> (r: Option<String>)
    ensures
        match r {
            Some(text) => document_in(output@) == Some(text@),
            None => document_in(output@) is None,
        },
{
    let chars: Vec<char> = chars_of(output);
    let body: &[char] = trimmed(chars.as_slice());
    if body.len() == 0 || spells(body, "null") {
        None
    } else {
        Some(string_of(body))
    }
}

/// The Serve configuration in an output: empty where it has no document, and
/// otherwise what its document was decoded to.
pub fn parse_serve_config(output: &str, decoded: Result<ServeConfig, String>) -> (r: Result<
    ServeConfig,
    String,
>)
    ensures
        match r {
            Ok(config) => if document_in(output@) is None {
                is_empty(config)
            } else {
                decoded == Ok::<ServeConfig, String>(config)
            },
            Err(error) => document_in(output@) is Some && (decoded matches Err(cause) && error@
                == "unsupported Serve status: "@ + cause@),
        },
{
    if serve_document(output).is_none() {
        return Ok(ServeConfig::empty());
    }
    match decoded {
        Ok(config) => Ok(config),
        Err(error) => {
            let mut message: String = "unsupported Serve status: ".to_owned();
            message.append(error.as_str());
            Err(message)
        },
    }
}

/// Nothing is served.
pub open spec fn is_empty(config: ServeConfig) -> bool {
    config.tcp@.len() == 0 && config.web@.len() == 0 && config.foreground@.len() == 0
        && config.allow_funnel@.len() == 0 && config.etag is None
}

/// The port at the end of a host.
pub open spec fn host_port_number(host: Seq<char>) -> Option<nat> {
    parse_decimal(after_last(host, ':'), 65535)
}

/// Whether a TCP forward, a host or an open Funnel uses the port.
pub open spec fn own_port_used(config: ServeConfig, port: nat) -> bool {
    ||| exists|i: int| 0 <= i < config.tcp@.len() && (#[trigger] config.tcp@[i])@ == decimal(port)
    ||| exists|i: int|
        0 <= i < config.web@.len() && host_port_number((#[trigger] config.web@[i]).0@) == Some(port)
    ||| exists|i: int|
        0 <= i < config.allow_funnel@.len() && (#[trigger] config.allow_funnel@[i]).1
            && host_port_number(config.allow_funnel@[i].0@) == Some(port)
}

/// Whether the configuration uses the port, foreground sessions counted in.
pub open spec fn port_used(config: ServeConfig, port: nat) -> bool
    decreases config, config.foreground@.len() + 1,
{
    own_port_used(config, port) || session_uses_port(config, port, 0)
}

/// Whether one of the foreground sessions from `i` on uses the port.
pub open spec fn session_uses_port(config: ServeConfig, port: nat, i: int) -> bool
    decreases config, config.foreground@.len() - i,
{
    if i < 0 || i >= config.foreground@.len() {
        false
    } else {
        (match config.foreground@[i].1 {
            Some(child) => port_used(child, port),
            None => false,
        }) || session_uses_port(config, port, i + 1)
    }
}

/// The value of the first entry with a key.
pub open spec fn route_for(web: Seq<(String, WebRoute)>, key: Seq<char>, i: int) -> Option<WebRoute>
    decreases web.len() - i,
{
    if i < 0 || i >= web.len() {
        None
    } else if web[i].0@ == key {
        Some(web[i].1)
    } else {
        route_for(web, key, i + 1)
    }
}

/// The handler of a path.
pub open spec fn handler_for(
    handlers: Seq<(String, WebHandler)>,
    path: Seq<char>,
    i: int,
) -> Option<WebHandler>
    decreases handlers.len() - i,
{
    if i < 0 || i >= handlers.len() {
        None
    } else if handlers[i].0@ == path {
        Some(handlers[i].1)
    } else {
        handler_for(handlers, path, i + 1)
    }
}

/// Whether a host is open to the internet, or was.
pub open spec fn funnelled(list: Seq<(String, bool)>, host: Seq<char>) -> bool {
    exists|i: int| 0 <= i < list.len() && (#[trigger] list[i]).0@ == host
}

/// Whether a session proxies exactly `authority` to exactly `bridge`, without
/// Funnel exposure.
pub open spec fn session_owns(
    session: Option<ServeConfig>,
    authority: Seq<char>,
    bridge: Seq<char>,
) -> bool {
    match session {
        None => false,
        Some(child) => match route_for(child.web@, authority, 0) {
            None => false,
            Some(route) => match handler_for(route.handlers@, "/"@, 0) {
                None => false,
                Some(handler) => handler.proxy@ == bridge && !funnelled(
                    child.allow_funnel@,
                    authority,
                ),
            },
        },
    }
}

/// Whether some foreground session proxies exactly `authority` to exactly
/// `bridge`, without Funnel exposure.
pub open spec fn route_owned(
    config: ServeConfig,
    authority: Seq<char>,
    bridge: Seq<char>,
) -> bool {
    exists|i: int|
        0 <= i < config.foreground@.len() && session_owns(
            (#[trigger] config.foreground@[i]).1,
            authority,
            bridge,
        )
}

fn port_of(host: &str) -> (r: Option<u16>)
    ensures
        match r {
            Some(port) => host_port_number(host@) == Some(port as nat),
            None => host_port_number(host@) is None,
        },
{
    let chars: Vec<char> = chars_of(host);
    port_number(tail_after(chars.as_slice(), ':'))
}

fn find_route<'a>(web: &'a Vec<(String, WebRoute)>, key: &str) -> (r: Option<&'a WebRoute>)
    ensures
        match r {
            Some(route) => route_for(web@, key@, 0) == Some(*route),
            None => route_for(web@, key@, 0) is None,
        },
{
    let mut i: usize = 0;
    while i < web.len()
        invariant
            i <= web@.len(),
            route_for(web@, key@, 0) == route_for(web@, key@, i as int),
        decreases web@.len() - i,
    {
        if same_text(web[i].0.as_str(), key) {
            return Some(&web[i].1);
        }
        i = i + 1;
    }
    None
}

fn find_handler<'a>(handlers: &'a Vec<(String, WebHandler)>, path: &str) -> (r: Option<
    &'a WebHandler,
>)
    ensures
        match r {
            Some(handler) => handler_for(handlers@, path@, 0) == Some(*handler),
            None => handler_for(handlers@, path@, 0) is None,
        },
{
    let mut i: usize = 0;
    while i < handlers.len()
        invariant
            i <= handlers@.len(),
            handler_for(handlers@, path@, 0) == handler_for(handlers@, path@, i as int),
        decreases handlers@.len() - i,
    {
        if same_text(handlers[i].0.as_str(), path) {
            return Some(&handlers[i].1);
        }
        i = i + 1;
    }
    None
}

fn is_funnelled(list: &Vec<(String, bool)>, host: &str) -> (r: bool)
    ensures
        r == funnelled(list@, host@),
{
    let mut i: usize = 0;
    while i < list.len()
        invariant
            i <= list@.len(),
            forall|k: int| 0 <= k < i ==> (#[trigger] list@[k]).0@ != host@,
        decreases list@.len() - i,
    {
        if same_text(list[i].0.as_str(), host) {
            return true;
        }
        i = i + 1;
    }
    false
}

impl ServeConfig {
    /// A configuration that serves nothing.
    pub fn empty() -> (r: ServeConfig)
        ensures
            is_empty(r),
            r.keys_once(),
    {
        ServeConfig {
            tcp: Vec::new(),
            web: Vec::new(),
            foreground: Vec::new(),
            allow_funnel: Vec::new(),
            etag: None,
        }
    }

    fn own_port(&self, port: u16) -> (r: bool)
        ensures
            r == own_port_used(*self, port as nat),
    {
        let text: String = decimal_string(port as u64);
        let mut i: usize = 0;
        while i < self.tcp.len()
            invariant
                i <= self.tcp@.len(),
                text@ == decimal(port as nat),
                forall|k: int| 0 <= k < i ==> (#[trigger] self.tcp@[k])@ != text@,
            decreases self.tcp@.len() - i,
        {
            if same_text(self.tcp[i].as_str(), text.as_str()) {
                return true;
            }
            i = i + 1;
        }
        i = 0;
        while i < self.web.len()
            invariant
                i <= self.web@.len(),
                forall|k: int|
                    0 <= k < i ==> host_port_number((#[trigger] self.web@[k]).0@) != Some(
                        port as nat,
                    ),
            decreases self.web@.len() - i,
        {
            match port_of(self.web[i].0.as_str()) {
                Some(used) => {
                    if used == port {
                        return true;
                    }
                },
                None => {},
            }
            i = i + 1;
        }
        i = 0;
        while i < self.allow_funnel.len()
            invariant
                i <= self.allow_funnel@.len(),
                forall|k: int|
                    0 <= k < i ==> !((#[trigger] self.allow_funnel@[k]).1 && host_port_number(
                        self.allow_funnel@[k].0@,
                    ) == Some(port as nat)),
            decreases self.allow_funnel@.len() - i,
        {
            if self.allow_funnel[i].1 {
                match port_of(self.allow_funnel[i].0.as_str()) {
                    Some(used) => {
                        if used == port {
                            return true;
                        }
                    },
                    None => {},
                }
            }
            i = i + 1;
        }
        false
    }

    /// Whether the port is in use, foreground sessions counted in.
    pub fn uses_port(&self, port: u16) -> (r: bool)
        ensures
            r == port_used(*self, port as nat),
        decreases *self,
    {
        if self.own_port(port) {
            return true;
        }
        let mut i: usize = 0;
        while i < self.foreground.len()
            invariant
                i <= self.foreground@.len(),
                !own_port_used(*self, port as nat),
                session_uses_port(*self, port as nat, 0) == session_uses_port(
                    *self,
                    port as nat,
                    i as int,
                ),
            decreases self.foreground@.len() - i,
        {
            match &self.foreground[i].1 {
                Some(child) => {
                    assert(decreases_to!(*self => self.foreground@[i as int].1->Some_0));
                    if child.uses_port(port) {
                        return true;
                    }
                },
                None => {},
            }
            i = i + 1;
        }
        false
    }

    /// The bridge owns the route when a foreground Serve session proxies the
    /// exact host to the exact bridge address without funnel exposure.
    pub fn owns_route(&self, authority: &str, bridge: &str) -> (r: bool)
        ensures
            r == route_owned(*self, authority@, bridge@),
    {
        let mut i: usize = 0;
        while i < self.foreground.len()
            invariant
                i <= self.foreground@.len(),
                forall|k: int|
                    0 <= k < i ==> !session_owns(
                        (#[trigger] self.foreground@[k]).1,
                        authority@,
                        bridge@,
                    ),
            decreases self.foreground@.len() - i,
        {
            match &self.foreground[i].1 {
                Some(child) => {
                    match find_route(&child.web, authority) {
                        Some(route) => {
                            match find_handler(&route.handlers, "/") {
                                Some(handler) => {
                                    if same_text(handler.proxy.as_str(), bridge) && !is_funnelled(
                                        &child.allow_funnel,
                                        authority,
                                    ) {
                                        assert(session_owns(
                                            self.foreground@[i as int].1,
                                            authority@,
                                            bridge@,
                                        ));
                                        return true;
                                    }
                                },
                                None => {},
                            }
                        },
                        None => {},
                    }
                },
                None => {},
            }
            i = i + 1;
        }
        false
    }
}

// -------------------------------------------------------------------- routes

/// What follows the scheme of a URL, or all of a text without one.
pub open spec fn after_scheme(text: Seq<char>) -> Seq<char> {
    match find_sub(text, "://"@) {
        Some(i) => text.skip(i + 3),
        None => text,
    }
}

/// The port of a Serve proxy target on this machine's loopback interface, such
/// as `http://127.0.0.1:3000`, `localhost:3000`, or a bare `3000`.
pub open spec fn proxy_port(proxy: Seq<char>) -> Option<nat> {
    let authority = before_any(after_scheme(proxy), seq!['/']);
    match rsplit_once(authority, ':') {
        None => parse_decimal(authority, 65535),
        Some((host, port)) => {
            let bare = match inside_brackets(host) {
                Some(inner) => inner,
                None => host,
            };
            if same_letters(bare, "localhost"@) || spells_loopback(bare) {
                parse_decimal(port, 65535)
            } else {
                None
            }
        },
    }
}

/// The site of a served host: the port is left out where it is the usual one.
pub open spec fn site(authority: Seq<char>) -> Seq<char> {
    "https://"@ + (match strip_suffix(authority, ":443"@) {
        Some(host) => host,
        None => authority,
    })
}

/// The URL of a path of a site.
pub open spec fn route_url(authority: Seq<char>, path: Seq<char>) -> Seq<char> {
    site(authority) + (if path == "/"@ {
        ""@
    } else {
        path
    })
}

/// The routes of one host's handlers to loopback ports.
pub open spec fn host_routes(
    authority: Seq<char>,
    handlers: Seq<(String, WebHandler)>,
) -> Seq<(u16, Seq<char>)>
    decreases handlers.len(),
{
    if handlers.len() == 0 {
        Seq::empty()
    } else {
        let before = host_routes(authority, handlers.drop_last());
        match proxy_port(handlers.last().1.proxy@) {
            Some(port) => before.push((port as u16, route_url(authority, handlers.last().0@))),
            None => before,
        }
    }
}

/// The routes of all hosts to loopback ports.
pub open spec fn web_routes(web: Seq<(String, WebRoute)>) -> Seq<(u16, Seq<char>)>
    decreases web.len(),
{
    if web.len() == 0 {
        Seq::empty()
    } else {
        web_routes(web.drop_last()) + host_routes(web.last().0@, web.last().1.handlers@)
    }
}

/// Whether a route comes no later than another: by port, then URL.
pub open spec fn route_le(a: (u16, Seq<char>), b: (u16, Seq<char>)) -> bool {
    a.0 < b.0 || (a.0 == b.0 && text_le(a.1, b.1))
}

/// The order of routes.
pub open spec fn route_order() -> spec_fn((u16, Seq<char>), (u16, Seq<char>)) -> bool {
    |a: (u16, Seq<char>), b: (u16, Seq<char>)| route_le(a, b)
}

/// Every HTTPS URL that proxies to a loopback port, foreground sessions counted
/// in, with that port, in order.
pub open spec fn routes_in(config: ServeConfig) -> Seq<(u16, Seq<char>)>
    decreases config, config.foreground@.len() + 1,
{
    sort_by(
        web_routes(config.web@) + session_routes(config, config.foreground@.len() as int),
        route_order(),
    )
}

/// The routes of the first `n` foreground sessions.
pub open spec fn session_routes(config: ServeConfig, n: int) -> Seq<(u16, Seq<char>)>
    decreases config, n,
{
    if n <= 0 || n > config.foreground@.len() {
        Seq::empty()
    } else {
        session_routes(config, n - 1) + match config.foreground@[n - 1].1 {
            Some(child) => routes_in(child),
            None => Seq::empty(),
        }
    }
}

/// Port of a Serve proxy target on this machine's loopback.
pub fn loopback_proxy_port(proxy: &str) -> (r: Option<u16>)
    ensures
        match r {
            Some(port) => proxy_port(proxy@) == Some(port as nat),
            None => proxy_port(proxy@) is None,
        },
{
    let chars: Vec<char> = chars_of(proxy);
    let n: usize = chars.len();
    let mark: Vec<char> = chars_of("://");
    proof {
        reveal_strlit("://");
        lemma_find_sub_from(chars@, "://"@, 0);
    }
    let rest: &[char] = match find_text(chars.as_slice(), mark.as_slice()) {
        Some(i) => slice_subrange(chars.as_slice(), i + 3, n),
        None => chars.as_slice(),
    };
    assert(rest@ =~= after_scheme(proxy@));
    let mut ends: Vec<char> = Vec::new();
    ends.push('/');
    assert(ends@ =~= seq!['/']);
    proof {
        lemma_find_any_from(rest@, ends@, 0);
    }
    let stop: usize = match find_any_char(rest, ends.as_slice()) {
        Some(index) => index,
        None => rest.len(),
    };
    let authority: &[char] = slice_subrange(rest, 0, stop);
    assert(authority@ =~= before_any(rest@, seq!['/']));
    match split_last(authority, ':') {
        None => port_number(authority),
        Some((host, port)) => {
            let bare: &[char] = match within_brackets(host) {
                Some(inner) => inner,
                None => host,
            };
            let local: Vec<char> = chars_of("localhost");
            if same_ignoring_case(bare, local.as_slice()) || names_loopback(bare) {
                port_number(port)
            } else {
                None
            }
        },
    }
}

fn url_of(authority: &str, path: &str) -> (r: String)
    ensures
        r@ == route_url(authority@, path@),
{
    let chars: Vec<char> = chars_of(authority);
    let mut text: String = "https://".to_owned();
    let host: String = match before_suffix(chars.as_slice(), ":443") {
        Some(host) => string_of(host),
        None => authority.to_owned(),
    };
    text.append(host.as_str());
    if same_text(path, "/") {
        text.append("");
    } else {
        text.append(path);
    }
    text
}

fn push_host_routes(
    out: &mut Vec<(u16, String)>,
    authority: &str,
    handlers: &Vec<(String, WebHandler)>,
)
    ensures
        keyed_texts(final(out)@) == keyed_texts(old(out)@) + host_routes(authority@, handlers@),
{
    let ghost start = keyed_texts(out@);
    let mut i: usize = 0;
    assert(handlers@.take(0) =~= Seq::empty());
    assert(start + host_routes(authority@, handlers@.take(0)) =~= start);
    while i < handlers.len()
        invariant
            i <= handlers@.len(),
            keyed_texts(out@) == start + host_routes(authority@, handlers@.take(i as int)),
        decreases handlers@.len() - i,
    {
        assert(handlers@.take(i + 1).drop_last() =~= handlers@.take(i as int));
        assert(handlers@.take(i + 1).last() == handlers@[i as int]);
        match loopback_proxy_port(handlers[i].1.proxy.as_str()) {
            Some(port) => {
                let url: String = url_of(authority, handlers[i].0.as_str());
                let ghost before = out@;
                let ghost shown = (port, url@);
                out.push((port, url));
                assert(keyed_texts(out@) =~= keyed_texts(before).push(shown));
                assert(keyed_texts(out@) =~= start + host_routes(
                    authority@,
                    handlers@.take(i + 1),
                ));
            },
            None => {},
        }
        i = i + 1;
    }
    assert(handlers@.take(i as int) =~= handlers@);
}

fn route_not_after(a: &(u16, String), b: &(u16, String)) -> (r: bool)
    ensures
        r == route_le((a.0, a.1@), (b.0, b.1@)),
{
    a.0 < b.0 || (a.0 == b.0 && not_after(a.1.as_str(), b.1.as_str()))
}

impl ServeConfig {
    /// Every HTTPS URL that proxies to a loopback port, including foreground
    /// sessions, keyed by that local port.
    pub fn loopback_routes(&self) -> (r: Vec<(u16, String)>)
        ensures
            keyed_texts(r@) == routes_in(*self),
        decreases *self,
    {
        let mut out: Vec<(u16, String)> = Vec::new();
        let mut i: usize = 0;
        assert(self.web@.take(0) =~= Seq::empty());
        assert(keyed_texts(out@) =~= Seq::empty());
        while i < self.web.len()
            invariant
                i <= self.web@.len(),
                keyed_texts(out@) == web_routes(self.web@.take(i as int)),
            decreases self.web@.len() - i,
        {
            assert(self.web@.take(i + 1).drop_last() =~= self.web@.take(i as int));
            assert(self.web@.take(i + 1).last() == self.web@[i as int]);
            push_host_routes(&mut out, self.web[i].0.as_str(), &self.web[i].1.handlers);
            i = i + 1;
        }
        assert(self.web@.take(i as int) =~= self.web@);
        let ghost hosts = web_routes(self.web@);
        assert(hosts + session_routes(*self, 0) =~= hosts);
        i = 0;
        while i < self.foreground.len()
            invariant
                i <= self.foreground@.len(),
                keyed_texts(out@) == hosts + session_routes(*self, i as int),
            decreases self.foreground@.len() - i,
        {
            match &self.foreground[i].1 {
                Some(child) => {
                    assert(decreases_to!(*self => self.foreground@[i as int].1->Some_0));
                    let more: Vec<(u16, String)> = child.loopback_routes();
                    let ghost before = keyed_texts(out@);
                    let mut k: usize = 0;
                    assert(before + keyed_texts(more@).take(0) =~= before);
                    while k < more.len()
                        invariant
                            k <= more@.len(),
                            keyed_texts(out@) == before + keyed_texts(more@).take(k as int),
                        decreases more@.len() - k,
                    {
                        let ghost was = out@;
                        out.push((more[k].0, more[k].1.clone()));
                        k = k + 1;
                        assert(keyed_texts(out@) =~= keyed_texts(was).push(
                            (more@[k - 1].0, more@[k - 1].1@),
                        ));
                        assert(keyed_texts(out@) =~= before + keyed_texts(more@).take(k as int));
                    }
                    assert(keyed_texts(more@).take(k as int) =~= keyed_texts(more@));
                    assert(keyed_texts(out@) =~= hosts + session_routes(*self, i + 1));
                },
                None => {
                    assert(session_routes(*self, i + 1) =~= session_routes(*self, i as int));
                },
            }
            i = i + 1;
        }
        let ghost le = |a: (u16, String), b: (u16, String)| route_le((a.0, a.1@), (b.0, b.1@));
        let ghost f = |route: (u16, String)| (route.0, route.1@);
        proof {
            lemma_sort_by_map(out@, le, f, route_order());
            assert(keyed_texts(out@) =~= out@.map_values(f));
        }
        let sorted: Vec<(u16, String)> = sort_vec(out, route_not_after, Ghost(le));
        assert(keyed_texts(sorted@) =~= sorted@.map_values(f));
        sorted
    }
}

// ----------------------------------------------------------------- the client

/// What became of a run of the Tailscale client.
pub enum Capture {
    /// It could not be started.
    NotStarted(String),
    /// Waiting for it failed.
    Lost(String),
    TimedOut,
    /// It failed, with this on its error output.
    Failed(Vec<u8>),
    /// It succeeded, with this output.
    Done(Vec<u8>),
}

/// What a run of the Tailscale client gave, or why it gave nothing.
pub open spec fn capture_text(label: Seq<char>, capture: Capture) -> Result<Seq<char>, Seq<char>> {
    match capture {
        Capture::NotStarted(error) => Err("read "@ + label + ": "@ + error@),
        Capture::Lost(error) => Err("wait for Tailscale CLI: "@ + error@),
        Capture::TimedOut => Err("read "@ + label + ": "@ + "timed out"@),
        Capture::Failed(stderr) => Err("read "@ + label + ": "@ + trim_end(lossy_text(stderr@))),
        Capture::Done(stdout) => if valid_utf8(stdout@) {
            Ok(decode_utf8(stdout@))
        } else {
            Err("parse "@ + label + ": "@ + utf8_error(stdout@))
        },
    }
}

fn labelled(start: &str, label: &str, detail: &str) -> (r: String)
    ensures
        r@ == start@ + label@ + ": "@ + detail@,
{
    let mut message: String = start.to_owned();
    message.append(label);
    message.append(": ");
    message.append(detail);
    message
}

/// Reads what a run of the Tailscale client gave; `label` names what was asked.
pub fn run_capture(label: &str, capture: Capture) -> (r: Result<String, String>)
    ensures
        match (r, capture_text(label@, capture)) {
            (Ok(text), Ok(t)) => text@ == t,
            (Err(error), Err(message)) => error@ == message,
            _ => false,
        },
{
    match capture {
        Capture::NotStarted(error) => Err(labelled("read ", label, error.as_str())),
        Capture::Lost(error) => {
            let mut message: String = "wait for Tailscale CLI: ".to_owned();
            message.append(error.as_str());
            Err(message)
        },
        Capture::TimedOut => Err(labelled("read ", label, "timed out")),
        Capture::Failed(stderr) => {
            let text: String = lossy(stderr.as_slice());
            let chars: Vec<char> = chars_of(text.as_str());
            let shown: String = string_of(trimmed_end(chars.as_slice()));
            Err(labelled("read ", label, shown.as_str()))
        },
        Capture::Done(stdout) => match utf8(stdout.as_slice()) {
            Ok(text) => Ok(text),
            Err(error) => Err(labelled("parse ", label, error.as_str())),
        },
    }
}

/// This machine's node, from a run of `tailscale status --json --peers=false`
/// whose output was decoded where there was one.
pub fn load_node(read: Result<Result<StatusDocument, String>, String>) -> (r: Result<
    TailnetNode,
    String,
>)
    ensures
        match read {
            Err(error) => r == Err::<TailnetNode, String>(error),
            Ok(document) => match (r, node_name(document)) {
                (Ok(node), Ok(name)) => node.dns_name@ == name,
                (Err(error), Err(message)) => error@ == message,
                _ => false,
            },
        },
{
    match read {
        Err(error) => Err(error),
        Ok(document) => parse_node(document),
    }
}

/// The Serve configuration, from a run of `tailscale serve status --json`: its
/// output with what the document in it was decoded to, or why there is none.
pub fn read_serve_config(
    read: Result<(String, Result<ServeConfig, String>), String>,
) -> (r: Result<ServeConfig, String>)
    ensures
        match read {
            Err(error) => r == Err::<ServeConfig, String>(error),
            Ok((output, decoded)) => match r {
                Ok(config) => if document_in(output@) is None {
                    is_empty(config)
                } else {
                    decoded == Ok::<ServeConfig, String>(config)
                },
                Err(error) => document_in(output@) is Some && (decoded matches Err(cause)
                    && error@ == "unsupported Serve status: "@ + cause@),
            },
        },
{
    match read {
        Err(error) => Err(error),
        Ok((output, decoded)) => parse_serve_config(output.as_str(), decoded),
    }
}

/// Where the client may be, before the search path: the path given on the
/// command line, the one in the environment where it is not empty, and the macOS
/// app's.
pub fn cli_candidates(explicit: Option<String>, variable: Option<String>, macos: bool) -> (r: Vec<
    String,
>)
    ensures
        texts(r@) == (match explicit {
            Some(path) => seq![path@],
            None => Seq::empty(),
        }) + (match variable {
            Some(path) => if path@.len() > 0 {
                seq![path@]
            } else {
                Seq::empty()
            },
            None => Seq::empty(),
        }) + (if macos {
            seq!["/Applications/Tailscale.app/Contents/MacOS/Tailscale"@]
        } else {
            Seq::empty()
        }),
{
    let mut out: Vec<String> = Vec::new();
    match explicit {
        Some(path) => out.push(path),
        None => {},
    }
    match variable {
        Some(path) => {
            let chars: Vec<char> = chars_of(path.as_str());
            if chars.len() > 0 {
                out.push(path);
            }
        },
        None => {},
    }
    if macos {
        out.push("/Applications/Tailscale.app/Contents/MacOS/Tailscale".to_owned());
    }
    assert(texts(out@) =~= (match explicit {
        Some(path) => seq![path@],
        None => Seq::empty(),
    }) + (match variable {
        Some(path) => if path@.len() > 0 {
            seq![path@]
        } else {
            Seq::empty()
        },
        None => Seq::empty(),
    }) + (if macos {
        seq!["/Applications/Tailscale.app/Contents/MacOS/Tailscale"@]
    } else {
        Seq::empty()
    }));
    out
}

/// The first usable path from `i` on.
pub open spec fn first_usable(paths: Seq<(String, bool)>, i: int) -> Option<Seq<char>>
    decreases paths.len() - i,
{
    if i < 0 || i >= paths.len() {
        None
    } else if paths[i].1 {
        Some(paths[i].0@)
    } else {
        first_usable(paths, i + 1)
    }
}

/// Chooses the client: the first of `paths` that is an executable file, which
/// the flag of each says.
pub fn find_cli(paths: &Vec<(String, bool)>) -> (r: Result<String, String>)
    ensures
        match r {
            Ok(path) => first_usable(paths@, 0) == Some(path@),
            Err(error) => first_usable(paths@, 0) is None && error@
                == "Tailscale CLI not found; install Tailscale or set TAILSCALE_CLI"@,
        },
{
    let mut i: usize = 0;
    while i < paths.len()
        invariant
            i <= paths@.len(),
            first_usable(paths@, 0) == first_usable(paths@, i as int),
        decreases paths@.len() - i,
    {
        if paths[i].1 {
            return Ok(paths[i].0.clone());
        }
        i = i + 1;
    }
    Err("Tailscale CLI not found; install Tailscale or set TAILSCALE_CLI".to_owned())
}

/// Whether a file's mode lets anyone execute it.
pub fn is_executable(mode: u32) -> (r: bool)
    ensures
        r == (mode & 0o111 != 0),
{
    mode & 0o111 != 0
}

// ------------------------------------------------------------------ the way

/// How Tailscale is reached.
pub enum Tailscale {
    /// Through tailscaled's socket.
    Local(LocalApi),
    /// Through the client at this path.
    Cli(String),
}

/// Whether the client was selected, on the command line or by a value of the
/// environment that is not empty.
pub open spec fn client_selected(explicit: Option<String>, variable: Option<String>) -> bool {
    explicit is Some || (variable matches Some(path) && path@.len() > 0)
}

impl Tailscale {
    /// Chooses how to reach Tailscale: through tailscaled's socket where there is
    /// one and no client was selected, and otherwise through the client. The flag
    /// of each path says whether it can be used.
    pub fn connect(
        explicit: &Option<String>,
        variable: &Option<String>,
        sockets: &Vec<(String, bool)>,
        clients: &Vec<(String, bool)>,
    ) -> (r: Result<Tailscale, String>)
        ensures
            match r {
                Ok(Tailscale::Local(api)) => !client_selected(*explicit, *variable)
                    && first_usable(sockets@, 0) == Some(api.socket@),
                Ok(Tailscale::Cli(path)) => (client_selected(*explicit, *variable)
                    || first_usable(sockets@, 0) is None) && first_usable(clients@, 0) == Some(
                    path@,
                ),
                Err(error) => (client_selected(*explicit, *variable) || first_usable(
                    sockets@,
                    0,
                ) is None) && first_usable(clients@, 0) is None && error@
                    == "Tailscale CLI not found; install Tailscale or set TAILSCALE_CLI"@,
            },
    {
        let selected: bool = match (explicit, variable) {
            (Some(_), _) => true,
            (None, Some(path)) => !same_text(path.as_str(), ""),
            (None, None) => false,
        };
        proof {
            reveal_strlit("");
            if variable is Some && variable->Some_0@.len() == 0 {
                assert(variable->Some_0@ =~= ""@);
            }
        }
        assert(selected == client_selected(*explicit, *variable));
        if !selected {
            match LocalApi::discover(sockets) {
                Some(api) => return Ok(Tailscale::Local(api)),
                None => {},
            }
        }
        match find_cli(clients) {
            Ok(path) => Ok(Tailscale::Cli(path)),
            Err(error) => Err(error),
        }
    }
}

// --------------------------------------------------------------------- laws

/// The routes come by port and URL.
pub proof fn routes_are_in_order(config: ServeConfig)
    ensures
        in_order(routes_in(config), route_order()),
{
    let le = route_order();
    assert(is_order(le)) by {
        assert forall|a: (u16, Seq<char>), b: (u16, Seq<char>)| #[trigger] le(a, b) || le(b, a) by {
            lemma_text_le_total(a.1, b.1, 0);
        }
        assert forall|a: (u16, Seq<char>), b: (u16, Seq<char>), c: (u16, Seq<char>)| #[trigger]
            le(a, b) && #[trigger] le(b, c) implies le(a, c) by {
            if a.0 == b.0 && b.0 == c.0 {
                lemma_text_le_transitive(a.1, b.1, c.1, 0);
            }
        }
    }
    sort_by_is_ordered(
        web_routes(config.web@) + session_routes(config, config.foreground@.len() as int),
        le,
    );
}

/// A route that a foreground session owns uses its host's port, so that no
/// second session can take it: owning and using go together.
pub proof fn owned_routes_use_their_port(
    config: ServeConfig,
    authority: Seq<char>,
    bridge: Seq<char>,
    port: nat,
)
    requires
        route_owned(config, authority, bridge),
        host_port_number(authority) == Some(port),
    ensures
        port_used(config, port),
{
    let i = choose|i: int|
        0 <= i < config.foreground@.len() && session_owns(
            (#[trigger] config.foreground@[i]).1,
            authority,
            bridge,
        );
    let child = config.foreground@[i].1.unwrap();
    lemma_route_for(child.web@, authority, 0);
    assert(own_port_used(child, port));
    assert(port_used(child, port));
    lemma_session_uses(config, port, i, 0);
}

/// Whether a session serves HTTPS on a port, proxies the root of `authority` to
/// `bridge`, and does nothing else: what `localapi::with_foreground_route` writes
/// for a session, as a configuration.
pub open spec fn holds_just_route(
    session: ServeConfig,
    port: nat,
    authority: Seq<char>,
    bridge: Seq<char>,
) -> bool {
    &&& session.tcp@.len() == 1
    &&& session.tcp@[0]@ == decimal(port)
    &&& session.web@.len() == 1
    &&& session.web@[0].0@ == authority
    &&& session.web@[0].1.handlers@.len() == 1
    &&& session.web@[0].1.handlers@[0].0@ == "/"@
    &&& session.web@[0].1.handlers@[0].1.proxy@ == bridge
    &&& session.foreground@.len() == 0
    &&& session.allow_funnel@.len() == 0
}

/// A route that a session has just been given is seen as owned, and its port as
/// in use, whatever else is served.
pub proof fn inserted_routes_are_owned(
    config: ServeConfig,
    i: int,
    port: nat,
    authority: Seq<char>,
    bridge: Seq<char>,
)
    requires
        0 <= i < config.foreground@.len(),
        config.foreground@[i].1 matches Some(session) && holds_just_route(
            session,
            port,
            authority,
            bridge,
        ),
    ensures
        route_owned(config, authority, bridge),
        port_used(config, port),
{
    let session = config.foreground@[i].1.unwrap();
    assert(route_for(session.web@, authority, 0) == Some(session.web@[0].1));
    let handlers = session.web@[0].1.handlers@;
    assert(handler_for(handlers, "/"@, 0) == Some(handlers[0].1));
    assert(session_owns(config.foreground@[i].1, authority, bridge));
    assert(session.tcp@[0]@ == decimal(port));
    assert(own_port_used(session, port));
    assert(port_used(session, port));
    lemma_session_uses(config, port, i, 0);
}

proof fn lemma_route_for(web: Seq<(String, WebRoute)>, key: Seq<char>, i: int)
    requires
        0 <= i,
        route_for(web, key, i) is Some,
    ensures
        exists|k: int| i <= k < web.len() && (#[trigger] web[k]).0@ == key,
    decreases web.len() - i,
{
    if i < web.len() && web[i].0@ != key {
        lemma_route_for(web, key, i + 1);
    }
}

pub proof fn lemma_session_uses(config: ServeConfig, port: nat, i: int, from: int)
    requires
        0 <= from <= i < config.foreground@.len(),
        config.foreground@[i].1 matches Some(child) && port_used(child, port),
    ensures
        session_uses_port(config, port, from),
    decreases i - from,
{
    if from < i {
        lemma_session_uses(config, port, i, from + 1);
    }
}

/// Where nothing is served, no port is in use and no route is owned.
pub proof fn empty_config_is_free(
    config: ServeConfig,
    port: nat,
    authority: Seq<char>,
    bridge: Seq<char>,
)
    requires
        is_empty(config),
    ensures
        !port_used(config, port),
        !route_owned(config, authority, bridge),
        routes_in(config).len() == 0,
{
    assert(session_routes(config, 0) =~= Seq::empty());
    assert(web_routes(config.web@) + session_routes(config, 0) =~= Seq::empty());
}

} // verus!
