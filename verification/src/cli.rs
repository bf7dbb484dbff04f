//! The command line: flags, the target URL, and what a run is asked to do.

use crate::duration::{debug_text, duration_of, parse_duration, quoted};
use crate::ip::{ip_chars, lemma_ip_shape, names_loopback, spells_loopback};
use crate::number::{
    decimal, decimal_reads_back, decimal_string, digit_value, lemma_radix_roundtrip, parse_decimal,
    port_number, word_number,
};
use crate::text::{
    after_prefix, before_any, before_suffix, chars_of, find, find_any_char, find_char, has_suffix,
    holds, lemma_find_any_from, lemma_find_from, lemma_rfind_to, lower, lower_text, lowered, rfind,
    rfind_char, same_text, spells, string_of, strip_prefix, strip_suffix, texts, trim_start_char,
    without_leading,
};
use vstd::prelude::*;
use vstd::slice::slice_subrange;

verus! {

/// Loopback HTTP target for the bridge. The address is validated before one is
/// made: http scheme, no credentials, no path, query or fragment, loopback host
/// only.
#[derive(Clone, Debug, PartialEq, Eq)]
pub struct TargetUrl {
    pub host: String,
    pub port: u16,
}

/// What a `TargetUrl` holds.
pub struct Target {
    pub host: Seq<char>,
    pub port: nat,
}

impl View for TargetUrl {
    type V = Target;

    open spec fn view(&self) -> Target {
        Target { host: self.host@, port: self.port as nat }
    }
}

/// `host:port`.
pub open spec fn host_port(target: Target) -> Seq<char> {
    target.host + ":"@ + decimal(target.port)
}

/// Whether a URL must put brackets around a host: one with colons, which would
/// run into the port, that has none yet.
pub open spec fn needs_brackets(host: Seq<char>) -> bool {
    host.contains(':') && host[0] != '['
}

/// A target's host and port as they stand in a URL: an IPv6 address is in
/// brackets there.
pub open spec fn url_authority(target: Target) -> Seq<char> {
    if needs_brackets(target.host) {
        "["@ + target.host + "]:"@ + decimal(target.port)
    } else {
        host_port(target)
    }
}

/// The URL of a target.
pub open spec fn target_url(target: Target) -> Seq<char> {
    "http://"@ + url_authority(target)
}

impl TargetUrl {
    /// `host:port`, the name that the target's server goes by.
    pub fn authority(&self) -> (r: String)
        ensures
            r@ == host_port(self@),
    {
        let mut text: String = self.host.clone();
        text.append(":");
        let port: String = decimal_string(self.port as u64);
        text.append(port.as_str());
        text
    }

    /// The target's host and port as they stand in a URL.
    pub fn in_url(&self) -> (r: String)
        ensures
            r@ == url_authority(self@),
    {
        let chars: Vec<char> = chars_of(self.host.as_str());
        if !holds(chars.as_slice(), ':') || chars[0] == '[' {
            return self.authority();
        }
        let mut text: String = "[".to_owned();
        text.append(self.host.as_str());
        text.append("]:");
        let port: String = decimal_string(self.port as u64);
        text.append(port.as_str());
        text
    }

    /// Canonical http URL for this target, used for display.
    pub fn url(&self) -> (r: String)
        ensures
            r@ == target_url(self@),
    {
        let mut text: String = "http://".to_owned();
        let authority: String = self.in_url();
        text.append(authority.as_str());
        text
    }

    /// The same target again.
    pub fn copy(&self) -> (r: TargetUrl)
        ensures
            r@ == self@,
    {
        TargetUrl { host: self.host.clone(), port: self.port }
    }
}

/// How to run: the command with its arguments, and what the flags chose.
#[derive(Debug)]
pub struct Config {
    pub command: Vec<String>,
    /// The HTTPS port; zero asks for an unused one.
    pub port: u16,
    pub tailscale_cli: Option<String>,
    pub target: Option<TargetUrl>,
    pub version: bool,
    /// The discovery deadline, in nanoseconds.
    pub timeout: u64,
}

/// What a `Config` holds.
pub struct Settings {
    pub command: Seq<Seq<char>>,
    pub port: nat,
    pub tailscale_cli: Option<Seq<char>>,
    pub target: Option<Target>,
    pub version: bool,
    pub timeout: nat,
}

/// The text in an optional string.
pub open spec fn text_of(value: Option<String>) -> Option<Seq<char>> {
    match value {
        Some(text) => Some(text@),
        None => None,
    }
}

/// The target in an optional one.
pub open spec fn target_view(value: Option<TargetUrl>) -> Option<Target> {
    match value {
        Some(target) => Some(target@),
        None => None,
    }
}

impl View for Config {
    type V = Settings;

    open spec fn view(&self) -> Settings {
        Settings {
            command: texts(self.command@),
            port: self.port as nat,
            tailscale_cli: text_of(self.tailscale_cli),
            target: target_view(self.target),
            version: self.version,
            timeout: self.timeout as nat,
        }
    }
}

/// What the arguments ask for.
#[derive(Debug)]
pub enum ParseOutcome {
    Config(Config),
    Dashboard,
    Version(String),
    Help,
}

/// What a `ParseOutcome` holds.
pub enum Outcome {
    Config(Settings),
    Dashboard,
    Version(Seq<char>),
    Help,
}

impl View for ParseOutcome {
    type V = Outcome;

    open spec fn view(&self) -> Outcome {
        match *self {
            ParseOutcome::Config(config) => Outcome::Config(config@),
            ParseOutcome::Dashboard => Outcome::Dashboard,
            ParseOutcome::Version(text) => Outcome::Version(text@),
            ParseOutcome::Help => Outcome::Help,
        }
    }
}

// -------------------------------------------------------------------- flags

/// One step over the arguments.
pub enum Step {
    End,
    Terminator,
    Flag(String, String),
}

/// What a `Step` holds.
pub enum Token {
    End,
    Terminator,
    Flag(Seq<char>, Seq<char>),
}

impl View for Step {
    type V = Token;

    open spec fn view(&self) -> Token {
        match *self {
            Step::End => Token::End,
            Step::Terminator => Token::Terminator,
            Step::Flag(name, value) => Token::Flag(name@, value@),
        }
    }
}

/// Flags that default to true and may appear without a value.
pub open spec fn is_boolean_flag(name: Seq<char>) -> bool {
    name == "version"@ || name == "help"@ || name == "h"@
}

/// The step at argument `i`, and the argument that follows it: a flag takes its
/// value from behind its equals sign, from the next argument, or, where it is
/// boolean, from nowhere.
pub open spec fn next_step(args: Seq<Seq<char>>, i: int) -> Result<(Token, int), Seq<char>> {
    if i >= args.len() {
        Ok((Token::End, i))
    } else {
        let item = args[i];
        let name = trim_start_char(item, '-');
        if item == "--"@ {
            Ok((Token::Terminator, i + 1))
        } else if item.len() == 0 || item[0] != '-' || item == "-"@ {
            Ok((Token::End, i))
        } else if name.len() == 0 {
            Err("bad flag syntax: "@ + item)
        } else {
            match find(name, '=') {
                Some(eq) => if eq == 0 {
                    Err("bad flag syntax: "@ + item)
                } else {
                    Ok((Token::Flag(name.take(eq), name.skip(eq + 1)), i + 1))
                },
                None => if is_boolean_flag(name) {
                    Ok((Token::Flag(name, "true"@), i + 1))
                } else if i + 1 >= args.len() {
                    Err("flag needs an argument: -"@ + name)
                } else {
                    Ok((Token::Flag(name, args[i + 1]), i + 2))
                },
            }
        }
    }
}

/// Whether the flag at argument `i` needs an argument and is the last: it has no
/// equals sign and is not boolean.
pub open spec fn lacks_argument(args: Seq<Seq<char>>, i: int) -> bool {
    next_step(args, i) is Err && trim_start_char(args[i], '-').len() > 0 && find(
        trim_start_char(args[i], '-'),
        '=',
    ) is None
}

/// Walks over the flags at the front of the arguments.
pub struct FlagParser<'a> {
    pub args: &'a [String],
    pub index: usize,
}

impl<'a> FlagParser<'a> {
    /// Starts at the first argument.
    pub fn new(args: &'a [String]) -> (r: FlagParser<'a>)
        ensures
            r.args == args,
            r.index == 0,
    {
        FlagParser { args, index: 0 }
    }

    /// Returns End at end of input, Terminator for "--", or the next flag. After
    /// an error it stands at the argument that is at fault, or behind the flag
    /// that lacks its argument.
    pub fn next(&mut self) -> (r: Result<Step, String>)
        requires
            old(self).index <= old(self).args@.len(),
        ensures
            final(self).args == old(self).args,
            final(self).index <= final(self).args@.len(),
            match (r, next_step(texts(old(self).args@), old(self).index as int)) {
                (Ok(step), Ok((token, after))) => step@ == token && final(self).index == after,
                (Err(error), Err(message)) => error@ == message && final(self).index == (
                if lacks_argument(texts(old(self).args@), old(self).index as int) {
                    old(self).index + 1
                } else {
                    old(self).index as int
                }),
                _ => false,
            },
    {
        let count: usize = self.args.len();
        if self.index >= count {
            return Ok(Step::End);
        }
        let args: &'a [String] = self.args;
        let item: &String = &args[self.index];
        assert(texts(self.args@)[self.index as int] == item@);
        if same_text(item.as_str(), "--") {
            self.index = self.index + 1;
            return Ok(Step::Terminator);
        }
        let chars: Vec<char> = chars_of(item.as_str());
        if chars.len() == 0 || chars[0] != '-' || same_text(item.as_str(), "-") {
            return Ok(Step::End);
        }
        let name: &[char] = without_leading(chars.as_slice(), '-');
        let length: usize = name.len();
        if length == 0 {
            let mut message: String = "bad flag syntax: ".to_owned();
            message.append(item.as_str());
            return Err(message);
        }
        proof {
            lemma_find_from(name@, '=', 0);
        }
        match find_char(name, '=') {
            Some(eq) => {
                if eq == 0 {
                    let mut message: String = "bad flag syntax: ".to_owned();
                    message.append(item.as_str());
                    return Err(message);
                }
                let key: &[char] = slice_subrange(name, 0, eq);
                let value: &[char] = slice_subrange(name, eq + 1, length);
                assert(key@ =~= name@.take(eq as int));
                assert(value@ =~= name@.skip(eq + 1));
                self.index = self.index + 1;
                return Ok(Step::Flag(string_of(key), string_of(value)));
            },
            None => {},
        }
        let bare_name: String = string_of(name);
        if same_text(bare_name.as_str(), "version") || same_text(bare_name.as_str(), "help")
            || same_text(bare_name.as_str(), "h") {
            self.index = self.index + 1;
            return Ok(Step::Flag(bare_name, "true".to_owned()));
        }
        if self.index + 1 >= count {
            let mut message: String = "flag needs an argument: -".to_owned();
            message.append(bare_name.as_str());
            self.index = self.index + 1;
            return Err(message);
        }
        let value: String = args[self.index + 1].clone();
        assert(texts(self.args@)[self.index + 1] == value@);
        self.index = self.index + 2;
        Ok(Step::Flag(bare_name, value))
    }

    /// The arguments that are left.
    pub fn remaining(&self) -> (r: Vec<String>)
        requires
            self.index <= self.args@.len(),
        ensures
            texts(r@) == texts(self.args@).skip(self.index as int),
    {
        let mut out: Vec<String> = Vec::new();
        let count: usize = self.args.len();
        let mut i: usize = self.index;
        while i < count
            invariant
                self.index <= i <= count,
                count == self.args@.len(),
                texts(out@) == texts(self.args@).subrange(self.index as int, i as int),
            decreases count - i,
        {
            let ghost before = out@;
            out.push(self.args[i].clone());
            i = i + 1;
            assert(texts(out@) =~= texts(before).push(self.args@[i - 1]@));
            assert(texts(self.args@).subrange(self.index as int, i as int) =~= texts(
                self.args@,
            ).subrange(self.index as int, i - 1).push(self.args@[i - 1]@));
        }
        assert(texts(self.args@).subrange(self.index as int, i as int) =~= texts(self.args@).skip(
            self.index as int,
        ));
        out
    }
}

// ------------------------------------------------------------------- target

/// Whether `host` names this machine's loopback interface.
pub open spec fn loopback_host(host: Seq<char>) -> bool {
    if host == "localhost"@ {
        true
    } else if host.len() >= 2 && host[0] == '[' && host.last() == ']' {
        spells_loopback(host.subrange(1, host.len() - 1))
    } else {
        spells_loopback(host)
    }
}

/// What is said of a target that is no plain loopback URL.
pub open spec fn target_rejected() -> Seq<char> {
    "target must be a loopback HTTP URL without credentials, path, query, or fragment"@
}

/// The characters that end a URL's authority.
pub open spec fn authority_ends() -> Seq<char> {
    seq!['/', '?', '#']
}

/// The host and the port text of an authority, brackets taken off; `value` is
/// the whole URL, which errors quote.
pub open spec fn split_authority(authority: Seq<char>, value: Seq<char>) -> Result<
    (Seq<char>, Option<Seq<char>>),
    Seq<char>,
> {
    if authority.len() > 0 && authority[0] == '[' {
        let inner = authority.skip(1);
        match find(inner, ']') {
            None => Err("invalid IPv6 address in "@ + debug_text(value)),
            Some(close) => {
                let after = inner.skip(close + 1);
                if after.len() > 0 && after[0] == ':' {
                    Ok((inner.take(close), Some(after.skip(1))))
                } else {
                    Err(target_rejected())
                }
            },
        }
    } else {
        match rfind(authority, ':') {
            Some(colon) => Ok((authority.take(colon), Some(authority.skip(colon + 1)))),
            None => Ok((authority, None)),
        }
    }
}

/// The port that an authority's port text stands for; 80 where it has none.
pub open spec fn target_port(text: Option<Seq<char>>, value: Seq<char>) -> Result<nat, Seq<char>> {
    match text {
        None => Ok(80),
        Some(digits) => if digits == "0"@ {
            Err("target port cannot be zero"@)
        } else {
            match parse_decimal(digits, 65535) {
                Some(port) => Ok(port),
                None => Err("invalid port in "@ + debug_text(value)),
            }
        },
    }
}

/// A host name without one trailing dot, in lower case.
pub open spec fn canonical_host(host: Seq<char>) -> Seq<char> {
    match strip_suffix(host, "."@) {
        Some(bare) => lower_text(bare),
        None => lower_text(host),
    }
}

/// The target that a URL names, or why it is none.
pub open spec fn target_of(value: Seq<char>) -> Result<Target, Seq<char>> {
    match strip_prefix(value, "http://"@) {
        None => Err(target_rejected()),
        Some(rest) => {
            let authority = before_any(rest, authority_ends());
            let path = rest.skip(authority.len() as int);
            if (path.len() > 0 && path != "/"@) || authority.len() == 0 || authority.contains('@') {
                Err(target_rejected())
            } else {
                match split_authority(authority, value) {
                    Err(message) => Err(message),
                    Ok((host, port_text)) => match target_port(port_text, value) {
                        Err(message) => Err(message),
                        Ok(port) => if loopback_host(canonical_host(host)) {
                            Ok(Target { host: canonical_host(host), port })
                        } else {
                            Err(target_rejected())
                        },
                    },
                }
            }
        },
    }
}

/// Whether `host` names this machine's loopback interface.
pub fn is_loopback_host(host: &str) -> (r: bool)
    ensures
        r == loopback_host(host@),
{
    if same_text(host, "localhost") {
        return true;
    }
    let chars: Vec<char> = chars_of(host);
    let n: usize = chars.len();
    if n >= 2 && chars[0] == '[' && chars[n - 1] == ']' {
        let inner: &[char] = slice_subrange(chars.as_slice(), 1, n - 1);
        assert(inner@ =~= host@.subrange(1, n - 1));
        return names_loopback(inner);
    }
    names_loopback(chars.as_slice())
}

fn rejection() -> (r: String)
    ensures
        r@ == target_rejected(),
{
    "target must be a loopback HTTP URL without credentials, path, query, or fragment".to_owned()
}

fn quoting(message: &str, value: &str) -> (r: String)
    ensures
        r@ == message@ + debug_text(value@),
{
    let mut text: String = message.to_owned();
    let shown: String = quoted(value);
    text.append(shown.as_str());
    text
}

fn part_authority<'a>(authority: &'a [char], value: &str) -> (r: Result<
    (&'a [char], Option<&'a [char]>),
    String,
>)
    ensures
        match (r, split_authority(authority@, value@)) {
            (Ok((host, None)), Ok((h, None))) => host@ == h,
            (Ok((host, Some(port))), Ok((h, Some(p)))) => host@ == h && port@ == p,
            (Err(error), Err(message)) => error@ == message,
            _ => false,
        },
{
    let n: usize = authority.len();
    if n > 0 && authority[0] == '[' {
        let inner: &[char] = slice_subrange(authority, 1, n);
        assert(inner@ =~= authority@.skip(1));
        proof {
            lemma_find_from(inner@, ']', 0);
        }
        match find_char(inner, ']') {
            None => Err(quoting("invalid IPv6 address in ", value)),
            Some(close) => {
                let host: &[char] = slice_subrange(inner, 0, close);
                let after: &[char] = slice_subrange(inner, close + 1, n - 1);
                assert(host@ =~= inner@.take(close as int));
                assert(after@ =~= inner@.skip(close + 1));
                let m: usize = after.len();
                if m > 0 && after[0] == ':' {
                    let port: &[char] = slice_subrange(after, 1, m);
                    assert(port@ =~= after@.skip(1));
                    Ok((host, Some(port)))
                } else {
                    Err(rejection())
                }
            },
        }
    } else {
        proof {
            lemma_rfind_to(authority@, ':', authority@.len() as int);
        }
        match rfind_char(authority, ':') {
            Some(colon) => {
                let host: &[char] = slice_subrange(authority, 0, colon);
                let port: &[char] = slice_subrange(authority, colon + 1, n);
                assert(host@ =~= authority@.take(colon as int));
                assert(port@ =~= authority@.skip(colon + 1));
                Ok((host, Some(port)))
            },
            None => Ok((authority, None)),
        }
    }
}

fn read_target_port(text: Option<&[char]>, value: &str) -> (r: Result<u16, String>)
    ensures
        match (
            r,
            target_port(
                match text {
                    Some(t) => Some(t@),
                    None => None,
                },
                value@,
            ),
        ) {
            (Ok(port), Ok(p)) => port == p,
            (Err(error), Err(message)) => error@ == message,
            _ => false,
        },
{
    match text {
        None => Ok(80),
        Some(digits) => {
            if spells(digits, "0") {
                return Err("target port cannot be zero".to_owned());
            }
            match port_number(digits) {
                Some(port) => Ok(port),
                None => Err(quoting("invalid port in ", value)),
            }
        },
    }
}

/// Reads a target URL.
pub fn parse_target(value: &str) -> (r: Result<TargetUrl, String>)
    ensures
        match (r, target_of(value@)) {
            (Ok(target), Ok(t)) => target@ == t,
            (Err(error), Err(message)) => error@ == message,
            _ => false,
        },
{
    let chars: Vec<char> = chars_of(value);
    let rest: &[char] = match after_prefix(chars.as_slice(), "http://") {
        Some(rest) => rest,
        None => return Err(rejection()),
    };
    let n: usize = rest.len();
    let mut ends: Vec<char> = Vec::new();
    ends.push('/');
    ends.push('?');
    ends.push('#');
    assert(ends@ =~= authority_ends());
    proof {
        lemma_find_any_from(rest@, ends@, 0);
    }
    let stop: usize = match find_any_char(rest, ends.as_slice()) {
        Some(index) => index,
        None => n,
    };
    let authority: &[char] = slice_subrange(rest, 0, stop);
    let path: &[char] = slice_subrange(rest, stop, n);
    assert(authority@ =~= before_any(rest@, authority_ends()));
    assert(path@ =~= rest@.skip(stop as int));
    if path.len() > 0 && !spells(path, "/") {
        return Err(rejection());
    }
    if authority.len() == 0 || holds(authority, '@') {
        return Err(rejection());
    }
    match part_authority(authority, value) {
        Err(error) => Err(error),
        Ok((host_text, port_text)) => {
            match read_target_port(port_text, value) {
                Err(error) => Err(error),
                Ok(port) => {
                    let bare: &[char] = match before_suffix(host_text, ".") {
                        Some(bare) => bare,
                        None => host_text,
                    };
                    let low: Vec<char> = lowered(bare);
                    let host: String = string_of(low.as_slice());
                    if !is_loopback_host(host.as_str()) {
                        return Err(rejection());
                    }
                    Ok(TargetUrl { host, port })
                },
            }
        },
    }
}

// ------------------------------------------------------------------- config

/// What is said of an HTTPS port that is none.
pub open spec fn port_rejected() -> Seq<char> {
    "HTTPS port must be between 1 and 65535"@
}

/// The HTTPS port that a flag's value stands for. Zero is none: an unused port
/// is asked for by leaving the flag out.
pub open spec fn port_of_flag(value: Seq<char>) -> Result<nat, Seq<char>> {
    match parse_decimal(value, 65535) {
        Some(port) => if port >= 1 {
            Ok(port)
        } else {
            Err(port_rejected())
        },
        None => Err(port_rejected()),
    }
}

/// The truth value that a boolean flag's value stands for.
pub open spec fn flag_value(value: Seq<char>, name: Seq<char>) -> Result<bool, Seq<char>> {
    if value == "true"@ || value == "1"@ {
        Ok(true)
    } else if value == "false"@ || value == "0"@ {
        Ok(false)
    } else {
        Err("invalid boolean value for -"@ + name + ": "@ + debug_text(value))
    }
}

/// What the flags read so far have chosen.
pub struct Choices {
    pub https_port: Option<nat>,
    pub tailscale_cli: Option<Seq<char>>,
    pub target: Option<Target>,
    pub version: bool,
    pub timeout: nat,
    pub help: bool,
}

/// Before any flag: a deadline of thirty seconds, and nothing else.
pub open spec fn no_choices() -> Choices {
    Choices {
        https_port: None,
        tailscale_cli: None,
        target: None,
        version: false,
        timeout: 30_000_000_000,
        help: false,
    }
}

/// One more flag. A later flag of the same name replaces an earlier one.
pub open spec fn choose_flag(choices: Choices, name: Seq<char>, value: Seq<char>) -> Result<
    Choices,
    Seq<char>,
> {
    if name == "https"@ {
        match port_of_flag(value) {
            Ok(port) => Ok(Choices { https_port: Some(port), ..choices }),
            Err(message) => Err(message),
        }
    } else if name == "tailscale-cli"@ {
        Ok(Choices { tailscale_cli: Some(value), ..choices })
    } else if name == "target"@ {
        match target_of(value) {
            Ok(target) => Ok(Choices { target: Some(target), ..choices }),
            Err(message) => Err(message),
        }
    } else if name == "timeout"@ {
        match duration_of(value) {
            Ok(nanos) => if nanos == 0 {
                Err("timeout must be positive"@)
            } else {
                Ok(Choices { timeout: nanos, ..choices })
            },
            Err(message) => Err(message),
        }
    } else if name == "version"@ {
        match flag_value(value, name) {
            Ok(version) => Ok(Choices { version, ..choices }),
            Err(message) => Err(message),
        }
    } else if name == "help"@ || name == "h"@ {
        Ok(Choices { help: true, ..choices })
    } else {
        Err("flag provided but not defined: -"@ + name)
    }
}

/// The choices of the flags from argument `i` on, and where the flags end; the
/// first flag that cannot be read decides the error.
pub open spec fn scan_flags(args: Seq<Seq<char>>, i: int, choices: Choices) -> Result<
    (Choices, int),
    Seq<char>,
>
    decreases args.len() - i,
{
    match next_step(args, i) {
        Err(message) => Err(message),
        Ok((token, after)) => match token {
            Token::Flag(name, value) => if after <= i || i >= args.len() {
                Ok((choices, after))
            } else {
                match choose_flag(choices, name, value) {
                    Ok(more) => scan_flags(args, after, more),
                    Err(message) => Err(message),
                }
            },
            _ => Ok((choices, after)),
        },
    }
}

/// What the arguments ask for, or why they cannot be read. `version` is the
/// version that is printed on demand.
pub open spec fn config_of(args: Seq<Seq<char>>, version: Seq<char>) -> Result<
    Outcome,
    Seq<char>,
> {
    if args.len() > 0 && args[0] == "dashboard"@ {
        if args.len() > 1 {
            Err("dashboard takes no arguments"@)
        } else {
            Ok(Outcome::Dashboard)
        }
    } else {
        match scan_flags(args, 0, no_choices()) {
            Err(message) => Err(message),
            Ok((choices, after)) => {
                let command = args.skip(after);
                if choices.help {
                    Ok(Outcome::Help)
                } else if choices.version {
                    Ok(Outcome::Version(version))
                } else if command.len() == 0 && choices.target is None {
                    Err("provide a command or --target"@)
                } else {
                    Ok(
                        Outcome::Config(
                            Settings {
                                command,
                                port: match choices.https_port {
                                    Some(port) => port,
                                    None => 0,
                                },
                                tailscale_cli: choices.tailscale_cli,
                                target: choices.target,
                                version: false,
                                timeout: choices.timeout,
                            },
                        ),
                    )
                }
            },
        }
    }
}

/// Reads an HTTPS port.
pub fn parse_port(value: &str) -> (r: Result<u16, String>)
    ensures
        match (r, port_of_flag(value@)) {
            (Ok(port), Ok(p)) => port == p,
            (Err(error), Err(message)) => error@ == message,
            _ => false,
        },
{
    let chars: Vec<char> = chars_of(value);
    match word_number(chars.as_slice()) {
        Some(parsed) => {
            if 1 <= parsed && parsed <= 65535 {
                Ok(parsed as u16)
            } else {
                Err("HTTPS port must be between 1 and 65535".to_owned())
            }
        },
        None => Err("HTTPS port must be between 1 and 65535".to_owned()),
    }
}

/// Reads the value of a boolean flag.
pub fn parse_flag_value(value: &str, name: &str) -> (r: Result<bool, String>)
    ensures
        match (r, flag_value(value@, name@)) {
            (Ok(v), Ok(w)) => v == w,
            (Err(error), Err(message)) => error@ == message,
            _ => false,
        },
{
    if same_text(value, "true") || same_text(value, "1") {
        Ok(true)
    } else if same_text(value, "false") || same_text(value, "0") {
        Ok(false)
    } else {
        let mut message: String = "invalid boolean value for -".to_owned();
        message.append(name);
        message.append(": ");
        let shown: String = quoted(value);
        message.append(shown.as_str());
        Err(message)
    }
}

/// The flags as they are read.
struct Flags {
    https_port: Option<u16>,
    tailscale_cli: Option<String>,
    target: Option<TargetUrl>,
    version: bool,
    timeout: u64,
    help: bool,
}

impl View for Flags {
    type V = Choices;

    closed spec fn view(&self) -> Choices {
        Choices {
            https_port: match self.https_port {
                Some(port) => Some(port as nat),
                None => None,
            },
            tailscale_cli: text_of(self.tailscale_cli),
            target: target_view(self.target),
            version: self.version,
            timeout: self.timeout as nat,
            help: self.help,
        }
    }
}

fn take_flag(flags: Flags, name: String, value: String) -> (r: Result<Flags, String>)
    ensures
        match (r, choose_flag(flags@, name@, value@)) {
            (Ok(more), Ok(choices)) => more@ == choices,
            (Err(error), Err(message)) => error@ == message,
            _ => false,
        },
{
    let mut flags: Flags = flags;
    if same_text(name.as_str(), "https") {
        match parse_port(value.as_str()) {
            Ok(port) => {
                flags.https_port = Some(port);
            },
            Err(error) => return Err(error),
        }
    } else if same_text(name.as_str(), "tailscale-cli") {
        flags.tailscale_cli = Some(value);
    } else if same_text(name.as_str(), "target") {
        match parse_target(value.as_str()) {
            Ok(target) => {
                flags.target = Some(target);
            },
            Err(error) => return Err(error),
        }
    } else if same_text(name.as_str(), "timeout") {
        match parse_duration(value.as_str()) {
            Ok(nanos) => {
                if nanos == 0 {
                    return Err("timeout must be positive".to_owned());
                }
                flags.timeout = nanos;
            },
            Err(error) => return Err(error),
        }
    } else if same_text(name.as_str(), "version") {
        match parse_flag_value(value.as_str(), name.as_str()) {
            Ok(version) => {
                flags.version = version;
            },
            Err(error) => return Err(error),
        }
    } else if same_text(name.as_str(), "help") || same_text(name.as_str(), "h") {
        flags.help = true;
    } else {
        let mut message: String = "flag provided but not defined: -".to_owned();
        message.append(name.as_str());
        return Err(message);
    }
    Ok(flags)
}

/// Reads the arguments; `version` is the version to print on demand.
pub fn parse_config_for(args: &[String], version: &str) -> (r: Result<ParseOutcome, String>)
    ensures
        match (r, config_of(texts(args@), version@)) {
            (Ok(outcome), Ok(o)) => outcome@ == o,
            (Err(error), Err(message)) => error@ == message,
            _ => false,
        },
{
    let count: usize = args.len();
    assert(texts(args@).len() == args@.len());
    if count > 0 {
        assert(texts(args@)[0] == args@[0]@);
        if same_text(args[0].as_str(), "dashboard") {
            if count > 1 {
                return Err("dashboard takes no arguments".to_owned());
            }
            return Ok(ParseOutcome::Dashboard);
        }
    }
    let mut flags: Flags = Flags {
        https_port: None,
        tailscale_cli: None,
        target: None,
        version: false,
        timeout: 30_000_000_000,
        help: false,
    };
    let mut parser: FlagParser = FlagParser::new(args);
    let mut done: bool = false;
    while !done
        invariant
            parser.args == args,
            parser.index <= args@.len(),
            !(texts(args@).len() > 0 && texts(args@)[0] == "dashboard"@),
            !done ==> scan_flags(texts(args@), 0, no_choices()) == scan_flags(
                texts(args@),
                parser.index as int,
                flags@,
            ),
            done ==> scan_flags(texts(args@), 0, no_choices()) == Ok::<(Choices, int), Seq<char>>(
                (flags@, parser.index as int),
            ),
        decreases
                (if done {
                    0
                } else {
                    1int
                }), args@.len() - parser.index,
    {
        match parser.next() {
            Err(error) => return Err(error),
            Ok(step) => match step {
                Step::Flag(name, value) => {
                    match take_flag(flags, name, value) {
                        Ok(more) => {
                            flags = more;
                        },
                        Err(error) => return Err(error),
                    }
                },
                _ => {
                    done = true;
                },
            },
        }
    }
    if flags.help {
        return Ok(ParseOutcome::Help);
    }
    let command: Vec<String> = parser.remaining();
    assert(texts(command@).len() == command@.len());
    if flags.version {
        return Ok(ParseOutcome::Version(version.to_owned()));
    }
    if command.len() == 0 && flags.target.is_none() {
        return Err("provide a command or --target".to_owned());
    }
    Ok(
        ParseOutcome::Config(
            Config {
                command,
                port: match flags.https_port {
                    Some(port) => port,
                    None => 0,
                },
                tailscale_cli: flags.tailscale_cli,
                target: flags.target,
                version: false,
                timeout: flags.timeout,
            },
        ),
    )
}

/// Reads the arguments of a build without a version of its own.
pub fn parse_config(args: &[String]) -> (r: Result<ParseOutcome, String>)
    ensures
        match (r, config_of(texts(args@), "dev"@)) {
            (Ok(outcome), Ok(o)) => outcome@ == o,
            (Err(error), Err(message)) => error@ == message,
            _ => false,
        },
{
    parse_config_for(args, "dev")
}

/// The help text.
pub open spec fn usage() -> Seq<char> {
    "Usage: poros [options] command [args ...]\n"@ + "       poros dashboard\n"@
        + "    \tlist listening servers and stop the ones you no longer need\n"@ + "Options:\n"@
        + "  -https int\n    \tHTTPS port (default: an unused port)\n"@
        + "  -tailscale-cli string\n    \tpath to Tailscale CLI\n"@
        + "  -version\n    \tprint version\n"@
        + "  -timeout duration\n    \tlocal server discovery deadline (default 30s)\n"@
        + "  -target string\n    \texplicit loopback HTTP URL instead of automatic discovery\n"@
}

/// The help text.
pub fn usage_text() -> (r: String)
    ensures
        r@ == usage(),
{
    let mut text: String = "Usage: poros [options] command [args ...]\n".to_owned();
    text.append("       poros dashboard\n");
    text.append("    \tlist listening servers and stop the ones you no longer need\n");
    text.append("Options:\n");
    text.append("  -https int\n    \tHTTPS port (default: an unused port)\n");
    text.append("  -tailscale-cli string\n    \tpath to Tailscale CLI\n");
    text.append("  -version\n    \tprint version\n");
    text.append("  -timeout duration\n    \tlocal server discovery deadline (default 30s)\n");
    text.append(
        "  -target string\n    \texplicit loopback HTTP URL instead of automatic discovery\n",
    );
    text
}

// --------------------------------------------------------------------- laws

/// What every set of choices keeps to: a positive deadline, ports in range, and
/// a target on the loopback interface.
pub open spec fn sound_choices(choices: Choices) -> bool {
    &&& choices.timeout > 0
    &&& choices.https_port matches Some(port) ==> 1 <= port <= 65535
    &&& choices.target matches Some(target) ==> loopback_host(target.host) && target.port <= 65535
}

proof fn lemma_scan_sound(args: Seq<Seq<char>>, i: int, choices: Choices)
    requires
        sound_choices(choices),
        0 <= i <= args.len(),
    ensures
        scan_flags(args, i, choices) matches Ok((more, after)) ==> sound_choices(more) && i <= after
            <= args.len(),
    decreases args.len() - i,
{
    if let Ok((Token::Flag(name, value), after)) = next_step(args, i) {
        if let Ok(more) = choose_flag(choices, name, value) {
            if i < args.len() {
                lemma_scan_sound(args, after, more);
            }
        }
    }
}

/// Whatever the arguments, a run that they configure has a positive deadline, an
/// HTTPS port in range, a command or a target, a target that is a port of the
/// loopback interface, and a command that is the end of the arguments, word for
/// word.
pub proof fn configured_runs_are_sound(args: Seq<Seq<char>>, version: Seq<char>)
    ensures
        config_of(args, version) matches Ok(Outcome::Config(settings)) ==> {
            &&& settings.timeout > 0
            &&& settings.port <= 65535
            &&& settings.command.len() > 0 || settings.target is Some
            &&& settings.target matches Some(target) ==> loopback_host(target.host) && target.port
                <= 65535
            &&& settings.command.len() <= args.len()
            &&& settings.command == args.skip(args.len() - settings.command.len())
        },
{
    lemma_scan_sound(args, 0, no_choices());
}

/// After `--` every argument is the command, also one that is named like a
/// subcommand or a flag: `-- dashboard` runs a program named dashboard.
pub proof fn terminator_makes_the_rest_the_command(rest: Seq<Seq<char>>, version: Seq<char>)
    requires
        rest.len() > 0,
    ensures
        config_of(seq!["--"@] + rest, version) == Ok::<Outcome, Seq<char>>(
            Outcome::Config(
                Settings {
                    command: rest,
                    port: 0,
                    tailscale_cli: None,
                    target: None,
                    version: false,
                    timeout: 30_000_000_000,
                },
            ),
        ),
{
    reveal_strlit("--");
    reveal_strlit("dashboard");
    let args = seq!["--"@] + rest;
    assert(args[0] == "--"@);
    assert("--"@.len() != "dashboard"@.len());
    assert(next_step(args, 0) == Ok::<(Token, int), Seq<char>>((Token::Terminator, 1int)));
    assert(args.skip(1) =~= rest);
}

/// A loopback host is written with visible ASCII characters, none of which means
/// something in a URL's path, query or user part.
pub proof fn lemma_loopback_chars(host: Seq<char>, i: int)
    requires
        loopback_host(host),
        0 <= i < host.len(),
    ensures
        '!' <= host[i] <= '~',
        !authority_ends().contains(host[i]),
        host[i] != '@',
{
    reveal_strlit("localhost");
    if host != "localhost"@ {
        if host.len() >= 2 && host[0] == '[' && host.last() == ']' {
            let inner = host.subrange(1, host.len() - 1);
            lemma_ip_shape(inner);
            if 0 < i < host.len() - 1 {
                assert(ip_chars()(inner[i - 1]));
            }
        } else {
            lemma_ip_shape(host);
            assert(ip_chars()(host[i]));
        }
    }
}

/// What a target's host is like: in lower case, with no dot at its end, and
/// without the characters that mean something in a URL.
proof fn lemma_target_host(value: Seq<char>)
    requires
        target_of(value) is Ok,
    ensures
        ({
            let host = target_of(value)->Ok_0.host;
            &&& host.len() > 0
            &&& host[0] != '['
            &&& host.last() != '.'
            &&& lower_text(host) == host
            &&& loopback_host(host)
            &&& forall|i: int|
                0 <= i < host.len() ==> !authority_ends().contains(#[trigger] host[i]) && host[i]
                    != '@' && host[i] != ']'
        }),
{
    reveal_strlit("localhost");
    let host = target_of(value)->Ok_0.host;
    let rest = strip_prefix(value, "http://"@)->Some_0;
    let authority = before_any(rest, authority_ends());
    let parts = split_authority(authority, value)->Ok_0;
    if authority[0] == '[' {
        let inner = authority.skip(1);
        lemma_find_from(inner, ']', 0);
        assert forall|i: int| 0 <= i < parts.0.len() implies parts.0[i] != ']' by {
            assert(parts.0[i] == inner[i]);
        }
    } else {
        lemma_rfind_to(authority, ':', authority.len() as int);
        assert(parts.0.len() > 0 ==> parts.0[0] == authority[0]);
    }
    let bare = match strip_suffix(parts.0, "."@) {
        Some(short) => short,
        None => parts.0,
    };
    assert(host == lower_text(bare));
    assert forall|i: int| 0 <= i < host.len() implies host[i] == lower(#[trigger] parts.0[i]) by {}
    assert(lower_text(host) =~= host);
    if host.len() > 0 && host[0] == '[' {
        assert(parts.0[0] == '[');
        assert(host.last() == lower(parts.0[host.len() - 1]));
        assert(host.last() != ']');
    }
    if host != "localhost"@ {
        lemma_ip_shape(host);
        assert(ip_chars()(host[0]));
    }
    assert forall|i: int| 0 <= i < host.len() implies !authority_ends().contains(
        #[trigger] host[i],
    ) && host[i] != '@' && host[i] != ']' by {
        lemma_loopback_chars(host, i);
        if host != "localhost"@ {
            assert(ip_chars()(host[i]));
        }
    }
}

/// A target's authority in a URL comes apart into its host and port again.
proof fn lemma_authority_splits(target: Target, value: Seq<char>)
    requires
        target.host.len() > 0,
        target.host[0] != '[',
        forall|i: int| 0 <= i < target.host.len() ==> #[trigger] target.host[i] != ']',
    ensures
        split_authority(url_authority(target), value) == Ok::<
            (Seq<char>, Option<Seq<char>>),
            Seq<char>,
        >((target.host, Some(decimal(target.port)))),
{
    reveal_strlit(":");
    reveal_strlit("[");
    reveal_strlit("]:");
    let host = target.host;
    let digits = decimal(target.port);
    let rest = url_authority(target);
    let h = host.len() as int;
    lemma_radix_roundtrip(target.port, 10);
    if needs_brackets(host) {
        let inner = rest.skip(1);
        lemma_find_from(inner, ']', 0);
        assert(inner[h] == ']');
        assert forall|i: int| 0 <= i < h implies inner[i] != ']' by {
            assert(inner[i] == host[i]);
        }
        assert(inner.take(h) =~= host);
        assert(inner.skip(h + 1)[0] == ':');
        assert(inner.skip(h + 1).skip(1) =~= digits);
    } else {
        assert(rest[0] == host[0]);
        lemma_rfind_to(rest, ':', rest.len() as int);
        assert(rest[h] == ':');
        assert forall|i: int| h < i < rest.len() implies rest[i] != ':' by {
            assert(digit_value(digits[i - h - 1], 10) is Some);
            assert(rest[i] == digits[i - h - 1]);
        }
        assert(rest.take(h) =~= host);
        assert(rest.skip(h + 1) =~= digits);
    }
}

/// A target's authority in a URL holds nothing that would end it.
proof fn lemma_authority_chars(target: Target, i: int)
    requires
        forall|k: int|
            0 <= k < target.host.len() ==> !authority_ends().contains(#[trigger] target.host[k])
                && target.host[k] != '@',
        0 <= i < url_authority(target).len(),
    ensures
        !authority_ends().contains(url_authority(target)[i]),
        url_authority(target)[i] != '@',
{
    reveal_strlit(":");
    reveal_strlit("[");
    reveal_strlit("]:");
    let host = target.host;
    let digits = decimal(target.port);
    let h = host.len() as int;
    lemma_radix_roundtrip(target.port, 10);
    let (before, between): (int, int) = if needs_brackets(host) {
        (1, 2)
    } else {
        (0, 1)
    };
    if before <= i < before + h {
        assert(url_authority(target)[i] == host[i - before]);
    } else if i >= before + h + between {
        let k = i - before - h - between;
        assert(url_authority(target)[i] == digits[k]);
        assert(digit_value(digits[k], 10) is Some);
    }
}

/// The URL of a target names that target again, for every target that a URL
/// with a port other than zero names.
pub proof fn target_url_reads_back(value: Seq<char>)
    requires
        target_of(value) matches Ok(target) && target.port != 0,
    ensures
        target_of(target_url(target_of(value)->Ok_0)) == target_of(value),
{
    reveal_strlit("http://");
    reveal_strlit("0");
    reveal_strlit(".");
    let target = target_of(value)->Ok_0;
    let host = target.host;
    let digits = decimal(target.port);
    let url = target_url(target);
    let rest = url_authority(target);
    lemma_target_host(value);
    lemma_radix_roundtrip(target.port, 10);
    assert(target.port <= 65535);
    assert(url.take(7) =~= "http://"@);
    assert(url.skip(7) =~= rest);
    assert forall|i: int| 0 <= i < rest.len() implies !authority_ends().contains(
        #[trigger] rest[i],
    ) && rest[i] != '@' by {
        lemma_authority_chars(target, i);
    }
    lemma_find_any_from(rest, authority_ends(), 0);
    lemma_authority_splits(target, url);
    assert(digits != "0"@) by {
        assert(digits[0] != '0');
    }
    decimal_reads_back(target.port, 65535);
    assert(canonical_host(host) == host) by {
        if has_suffix(host, "."@) {
            assert(host.skip(host.len() - 1)[0] == host.last());
        }
    }
}

} // verus!
